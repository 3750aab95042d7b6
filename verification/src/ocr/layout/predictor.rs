//! Finding the regions of a page.
//!
//! The model is fed the page at 800 by 800 pixels and answers with one row of six numbers
//! per region: class, score and the corners of its box on the page.
use crate::raster::RgbImage;
use crate::single::Single;
use vstd::prelude::*;

verus! {

/// The names of the classes, in the order in which the model numbers them.
pub const LABELS: [&'static str; 20] = [
    "paragraph_title",
    "image",
    "text",
    "number",
    "abstract",
    "content",
    "figure_title",
    "formula",
    "table",
    "reference",
    "doc_title",
    "footnote",
    "header",
    "algorithm",
    "footer",
    "seal",
    "chart",
    "formula_number",
    "aside_text",
    "reference_content",
];

/// The side of the picture that the model is fed.
pub const INPUT_SIZE: u32 = 800;

/// The bit pattern of 0.5.
pub const DEFAULT_THRESHOLD: u32 = 0x3f00_0000;

/// A region that was found.
#[derive(Debug, Clone, Copy)]
pub struct LayoutBox {
    /// The number of its class in [`LABELS`].
    pub label_id: usize,
    /// The name of its class.
    pub label: &'static str,
    /// How sure the model is.
    pub score: Single,
    /// `[x1, y1, x2, y2]`, in pixels of the page and within it.
    pub bbox: [Single; 4],
}

/// The settings of the layout model.
#[derive(Debug, Clone, Copy)]
pub struct LayoutPredictor {
    /// Regions with a lower score are dropped.
    pub threshold: Single,
}

/// What the model is fed.
#[derive(Debug)]
pub struct LayoutInput {
    /// The planes blue, green and red of the page at 800 by 800 pixels.
    pub image: Vec<Single>,
    /// The height and width of that picture.
    pub im_shape: [Single; 2],
    /// By how much the page was scaled, in height and width.
    pub scale_factor: [Single; 2],
}

/// The planes of a picture that already has the size the model is fed.
pub open spec fn layout_planes(data: Seq<u8>) -> Seq<Single> {
    let table = crate::ocr::tensor::fractions();
    crate::ocr::tensor::planes(data, 640_000, seq![table, table, table])
}

/// The planes of a picture that already has the size the model is fed.
pub fn fraction_planes(resized: &RgbImage) -> (r: Vec<Single>)
    requires
        resized.wf(),
        resized.width == INPUT_SIZE,
        resized.height == INPUT_SIZE,
    ensures
        r@ == layout_planes(resized.data@),
{
    let table: Vec<Single> = crate::ocr::tensor::fraction_table();
    crate::ocr::tensor::to_planes(&resized.data, 640_000, &table, &table, &table)
}

/// A coordinate moved onto a page that is `limit` long.
pub open spec fn clipped(v: Single, limit: u32) -> Single {
    v.clamped(Single { bits: 0 }, Single::whole(limit as int))
}

/// The region that a row of six numbers describes, `None` where its score is below the
/// threshold, its class has no name, or nothing of its box is on the page.
#[verifier::opaque]
pub open spec fn box_of(threshold: Single, ow: u32, oh: u32, row: Seq<Single>) -> Option<LayoutBox> {
    let id = row[0].to_whole(0, u64::MAX as int);
    let (x1, y1) = (clipped(row[2], ow), clipped(row[3], oh));
    let (x2, y2) = (clipped(row[4], ow), clipped(row[5], oh));
    if row[1].below(threshold) || id >= 20 || x2.at_most(x1) || y2.at_most(y1) {
        None
    } else {
        Some(
            LayoutBox {
                label_id: id as usize,
                label: LABELS@[id],
                score: row[1],
                bbox: [x1, y1, x2, y2],
            },
        )
    }
}

/// The regions that the first `n` rows describe.
pub open spec fn boxes_of(
    threshold: Single,
    ow: u32,
    oh: u32,
    data: Seq<Single>,
    n: nat,
) -> Seq<LayoutBox>
    decreases n,
{
    if n == 0 {
        Seq::empty()
    } else {
        let rest = boxes_of(threshold, ow, oh, data, (n - 1) as nat);
        match box_of(threshold, ow, oh, data.subrange(6 * (n - 1), 6 * (n - 1) + 6)) {
            Some(found) => rest.push(found),
            None => rest,
        }
    }
}

/// The coordinate is "not a number" or lies on a page that is `limit` long.
pub open spec fn on_page(v: Single, limit: u32) -> bool {
    v.nan() || 0 <= v.units() <= Single::whole(limit as int).units()
}

/// What holds of every region that is kept.
pub open spec fn kept(region: LayoutBox, threshold: Single, ow: u32, oh: u32) -> bool {
    &&& region.label_id < 20
    &&& region.label == LABELS@[region.label_id as int]
    &&& !region.score.below(threshold)
    &&& on_page(region.bbox[0], ow)
    &&& on_page(region.bbox[1], oh)
    &&& on_page(region.bbox[2], ow)
    &&& on_page(region.bbox[3], oh)
    &&& region.bbox[0].nan() || region.bbox[2].nan() || region.bbox[0].units()
        < region.bbox[2].units()
    &&& region.bbox[1].nan() || region.bbox[3].nan() || region.bbox[1].units()
        < region.bbox[3].units()
}

/// How many rows describe regions: the number that the model gives, and all rows where it
/// gives none, a negative one or more than there are.
pub open spec fn counted(given: Option<i32>, rows: usize) -> usize {
    match given {
        Some(n) if 0 <= n < rows => n as usize,
        _ => rows,
    }
}

/// How many rows describe regions.
pub fn box_count(given: Option<i32>, rows: usize) -> (r: usize)
    ensures
        r == counted(given, rows),
        r <= rows,
{
    match given {
        Some(n) => if n >= 0 && (n as usize) < rows {
            n as usize
        } else {
            rows
        },
        None => rows,
    }
}

impl LayoutPredictor {
    /// A predictor that drops regions with a score below 0.5.
    pub fn new() -> (r: LayoutPredictor)
        ensures
            r.threshold.bits == DEFAULT_THRESHOLD,
    {
        LayoutPredictor::with_threshold(Single::from_bits(DEFAULT_THRESHOLD))
    }

    /// A predictor that drops regions with a score below the threshold.
    pub fn with_threshold(threshold: Single) -> (r: LayoutPredictor)
        ensures
            r.threshold == threshold,
    {
        LayoutPredictor { threshold }
    }

    /// What the model is fed for a page.
    pub fn input(&self, page: &RgbImage) -> (r: LayoutInput)
        requires
            page.wf(),
            crate::raster::resizable(page.width, page.height, INPUT_SIZE, INPUT_SIZE),
        ensures
            r.image@ == layout_planes(
                crate::raster::resampled_rgb(
                    page.data@,
                    page.width as int,
                    page.height as int,
                    800,
                    800,
                ),
            ),
            r.im_shape@ == seq![Single::whole(800), Single::whole(800)],
            r.scale_factor@ == seq![
                Single::quotient(Single::whole(800), Single::whole(page.height as int)),
                Single::quotient(Single::whole(800), Single::whole(page.width as int)),
            ],
            page.height >= 1 ==> crate::close::about(
                r.scale_factor@[0],
                800,
                page.height as int,
                3,
            ),
            page.width >= 1 ==> crate::close::about(r.scale_factor@[1], 800, page.width as int, 3),
    {
        proof {
            if page.height >= 1 {
                crate::ocr::layout::rows::lemma_scale_told(page.height);
            }
            if page.width >= 1 {
                crate::ocr::layout::rows::lemma_scale_told(page.width);
            }
        }
        let resized: RgbImage = crate::raster::resize_rgb(page, INPUT_SIZE, INPUT_SIZE);
        let side: Single = Single::from_u64(INPUT_SIZE as u64);
        LayoutInput {
            image: fraction_planes(&resized),
            im_shape: [side, side],
            scale_factor: [
                side.over(Single::from_u64(page.height as u64)),
                side.over(Single::from_u64(page.width as u64)),
            ],
        }
    }

    /// The region that the row at `at` describes.
    fn read_row(&self, ow: u32, oh: u32, data: &Vec<Single>, at: usize) -> (r: Option<LayoutBox>)
        requires
            at + 6 <= data.len(),
        ensures
            r == box_of(self.threshold, ow, oh, data@.subrange(at as int, at + 6)),
            r matches Some(region) ==> kept(region, self.threshold, ow, oh),
    {
        proof {
            reveal(box_of);
            crate::bounds::lemma_whole_ordered(0, ow as nat);
            crate::bounds::lemma_whole_ordered(0, oh as nat);
        }
        let ghost row: Seq<Single> = data@.subrange(at as int, at + 6);
        let (r0, r1, r2, r3, r4, r5) = (
            data[at],
            data[at + 1],
            data[at + 2],
            data[at + 3],
            data[at + 4],
            data[at + 5],
        );
        assert(row[0] == r0 && row[1] == r1 && row[2] == r2 && row[3] == r3 && row[4] == r4
            && row[5] == r5);
        let id: u64 = r0.to_u64();
        if r1.lt(self.threshold) || id >= 20 {
            return None;
        }
        let zero: Single = Single::from_bits(0);
        assert(zero.units() == 0);
        let width: Single = Single::from_u64(ow as u64);
        let height: Single = Single::from_u64(oh as u64);
        let x1: Single = r2.clamp(zero, width);
        let y1: Single = r3.clamp(zero, height);
        let x2: Single = r4.clamp(zero, width);
        let y2: Single = r5.clamp(zero, height);
        if x2.le(x1) || y2.le(y1) {
            return None;
        }
        let bbox: [Single; 4] = [x1, y1, x2, y2];
        let region: LayoutBox = LayoutBox {
            label_id: id as usize,
            label: LABELS[id as usize],
            score: r1,
            bbox,
        };
        proof {
            let want: LayoutBox = box_of(self.threshold, ow, oh, row)->Some_0;
            assert(want.bbox@ =~= bbox@);
            assert(want.bbox =~= bbox);
        }
        Some(region)
    }

    /// The regions that the first `count` rows of the model's answer describe, for a page of
    /// the given sides.
    pub fn boxes(&self, ow: u32, oh: u32, data: &Vec<Single>, count: usize) -> (r: Vec<LayoutBox>)
        requires
            count * 6 <= data.len(),
        ensures
            r@ == boxes_of(self.threshold, ow, oh, data@, count as nat),
            forall|i: int|
                0 <= i < r@.len() ==> kept(#[trigger] r@[i], self.threshold, ow, oh),
    {
        let mut r: Vec<LayoutBox> = Vec::new();
        let mut i: usize = 0;
        while i < count
            invariant
                i <= count,
                count * 6 <= data.len(),
                r@ == boxes_of(self.threshold, ow, oh, data@, i as nat),
                forall|k: int|
                    0 <= k < r@.len() ==> kept(#[trigger] r@[k], self.threshold, ow, oh),
            decreases count - i,
        {
            match self.read_row(ow, oh, data, 6 * i) {
                Some(region) => {
                    r.push(region);
                },
                None => {},
            }
            i = i + 1;
        }
        r
    }
}

} // verus!
